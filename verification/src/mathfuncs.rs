//! Distance, mean and silhouette score in fixed-point arithmetic.

use crate::matrix::{matrix_cols, rows_view, Matrix};
use crate::utility::max;
use vstd::arithmetic::div_mod::lemma_fundamental_div_mod_converse;
use vstd::prelude::*;

verus! {

/// The raw value of the number one: a coordinate has sixteen fractional bits.
pub const ONE: i32 = 65536;

/// Farther than any distance between two points; the distance "to nothing".
pub const INFINITE: u64 = u64::MAX;

/// The sum of the items of `s`.
pub open spec fn total(s: Seq<int>) -> int
    decreases s.len(),
{
    if s.len() == 0 {
        0
    } else {
        total(s.drop_last()) + s.last()
    }
}

/// `a - b`, coordinate by coordinate, over the length of `a`.
pub open spec fn differences(a: Seq<i32>, b: Seq<i32>) -> Seq<int> {
    Seq::new(a.len(), |i: int| a[i] - b[i])
}

/// Each item of `s` multiplied by itself.
pub open spec fn squares(s: Seq<int>) -> Seq<int> {
    Seq::new(s.len(), |i: int| s[i] * s[i])
}

/// The sum of the squared coordinate differences of `a` and `b`.
pub open spec fn squared_distance(a: Seq<i32>, b: Seq<i32>) -> int {
    total(squares(differences(a, b)))
}

/// Whether `r` is the square root of `s`, rounded down.
pub open spec fn is_floor_sqrt(s: int, r: int) -> bool {
    0 <= r && r * r <= s < (r + 1) * (r + 1)
}

/// The square root of `s`, rounded down.
pub open spec fn floor_sqrt(s: int) -> int {
    choose|r: int| is_floor_sqrt(s, r)
}

/// The distance between `a` and `b`: half the root of the summed squared
/// differences, rounded down to a whole raw unit.
pub open spec fn distance(a: Seq<i32>, b: Seq<i32>) -> int {
    floor_sqrt(squared_distance(a, b)) / 2
}

/// At most one number is the rounded-down square root of `s`.
pub proof fn lemma_floor_sqrt_unique(s: int, r1: int, r2: int)
    requires
        is_floor_sqrt(s, r1),
        is_floor_sqrt(s, r2),
    ensures
        r1 == r2,
{
    if r1 < r2 {
        assert((r1 + 1) * (r1 + 1) <= r2 * r2) by (nonlinear_arith)
            requires
                0 <= r1 + 1 <= r2,
        ;
    }
    if r2 < r1 {
        assert((r2 + 1) * (r2 + 1) <= r1 * r1) by (nonlinear_arith)
            requires
                0 <= r2 + 1 <= r1,
        ;
    }
}

/// The sum of `s` grows by `x` when `x` is appended.
pub proof fn lemma_total_push(s: Seq<int>, x: int)
    ensures
        total(s.push(x)) == total(s) + x,
{
    assert(s.push(x).drop_last() =~= s);
}

/// A sum of non-negative items is non-negative.
pub proof fn lemma_total_nonnegative(s: Seq<int>)
    requires
        forall|i: int| 0 <= i < s.len() ==> #[trigger] s[i] >= 0,
    ensures
        total(s) >= 0,
    decreases s.len(),
{
    if s.len() > 0 {
        assert forall|i: int| 0 <= i < s.drop_last().len() implies #[trigger] s.drop_last()[i]
            >= 0 by {
            assert(s.drop_last()[i] == s[i]);
        }
        lemma_total_nonnegative(s.drop_last());
    }
}

/// Among non-negative items, no prefix sums to more than the whole.
pub proof fn lemma_total_prefix(s: Seq<int>, n: int)
    requires
        0 <= n <= s.len(),
        forall|i: int| 0 <= i < s.len() ==> #[trigger] s[i] >= 0,
    ensures
        0 <= total(s.take(n)) <= total(s),
    decreases s.len() - n,
{
    lemma_total_nonnegative(s.take(n));
    if n == s.len() {
        assert(s.take(n) =~= s);
    } else {
        lemma_total_prefix(s, n + 1);
        assert(s.take(n + 1) =~= s.take(n).push(s[n]));
        lemma_total_push(s.take(n), s[n]);
    }
}

/// The sum of items that all lie in `[lo, hi]` lies in `[len * lo, len * hi]`.
pub proof fn lemma_total_bounds(s: Seq<int>, lo: int, hi: int)
    requires
        forall|i: int| 0 <= i < s.len() ==> lo <= #[trigger] s[i] <= hi,
    ensures
        s.len() * lo <= total(s) <= s.len() * hi,
    decreases s.len(),
{
    if s.len() > 0 {
        assert forall|i: int| 0 <= i < s.drop_last().len() implies lo
            <= #[trigger] s.drop_last()[i] <= hi by {
            assert(s.drop_last()[i] == s[i]);
        }
        lemma_total_bounds(s.drop_last(), lo, hi);
        assert(s.len() * lo == (s.len() - 1) * lo + lo) by (nonlinear_arith);
        assert(s.len() * hi == (s.len() - 1) * hi + hi) by (nonlinear_arith);
    } else {
        assert(s.len() * lo == 0 && s.len() * hi == 0) by (nonlinear_arith)
            requires
                s.len() == 0,
        ;
    }
}

/// `x * x`.
pub fn square(x: i32) -> (r: u64)
    ensures
        r == x * x,
{
    let wide: i64 = x as i64;
    assert(0 <= wide * wide <= 0x4000_0000_0000_0000) by (nonlinear_arith)
        requires
            -0x8000_0000 <= wide <= 0x7fff_ffff,
    ;
    (wide * wide) as u64
}

/// The square root of `s`, rounded down.
pub fn isqrt(s: u128) -> (r: u64)
    ensures
        is_floor_sqrt(s as int, r as int),
        r == floor_sqrt(s as int),
{
    let mut root: u128 = 0;
    let mut bit: u32 = 0;
    assert((1u128 << 64u32) == 0x1_0000_0000_0000_0000u128) by (bit_vector);
    assert((1u128 << 0u32) == 1) by (bit_vector);
    assert(0x1_0000_0000_0000_0000int * 0x1_0000_0000_0000_0000int
        == 0x1_0000_0000_0000_0000_0000_0000_0000_0000int) by (nonlinear_arith);
    let mut searching: bool = true;
    while searching && bit < 64
        invariant
            bit <= 64,
            !searching ==> bit < 64 && s < (1u128 << bit) * (1u128 << bit),
        decreases
                64 - bit + (if searching {
                    1int
                } else {
                    0int
                }),
    {
        let step: u128 = 1u128 << bit;
        let b: u32 = bit;
        assert((1u128 << b) <= 0x8000_0000_0000_0000) by (bit_vector)
            requires
                b < 64,
        ;
        assert(step * step <= 0x8000_0000_0000_0000 * 0x8000_0000_0000_0000) by (nonlinear_arith)
            requires
                0 <= step <= 0x8000_0000_0000_0000,
        ;
        if step * step <= s {
            bit = bit + 1;
        } else {
            searching = false;
        }
    }
    proof {
        let b: u32 = bit;
        assert((1u128 << b) <= 0x1_0000_0000_0000_0000) by (bit_vector)
            requires
                b <= 64,
        ;
        if bit == 64 {
            assert(s < (1u128 << bit) * (1u128 << bit));
        }
    }
    while bit > 0
        invariant
            bit <= 64,
            root + (1u128 << bit) <= 0x1_0000_0000_0000_0000,
            root * root <= s,
            s < (root + (1u128 << bit)) * (root + (1u128 << bit)),
        decreases bit,
    {
        let ghost step: int = (1u128 << bit) as int;
        bit = bit - 1;
        let half: u128 = 1u128 << bit;
        assert(step == 2 * half && half >= 1) by {
            let b: u32 = bit;
            assert((1u128 << ((b + 1) as u32)) == 2 * (1u128 << b) && (1u128 << b) >= 1)
                by (bit_vector)
                requires
                    b < 64,
            ;
        }
        let mid: u128 = root + half;
        assert(mid * mid <= 0xffff_ffff_ffff_ffff * 0xffff_ffff_ffff_ffff) by (nonlinear_arith)
            requires
                0 <= mid <= 0xffff_ffff_ffff_ffff,
        ;
        if mid * mid <= s {
            root = mid;
        }
    }
    assert((1u128 << 0u32) == 1) by (bit_vector);
    proof {
        let found = root as int;
        assert(is_floor_sqrt(s as int, found));
        lemma_floor_sqrt_unique(s as int, found, floor_sqrt(s as int));
    }
    root as u64
}

/// Each item of `x` multiplied by itself.
pub fn squared1d(x: Vec<i64>) -> (r: Vec<u64>)
    requires
        forall|i: int| 0 <= i < x@.len() ==> -0xffff_ffff <= #[trigger] x@[i] <= 0xffff_ffff,
    ensures
        r@.map_values(|v: u64| v as int) == squares(x@.map_values(|v: i64| v as int)),
{
    let mut r: Vec<u64> = Vec::new();
    let mut i: usize = 0;
    while i < x.len()
        invariant
            i <= x@.len(),
            r@.len() == i,
            forall|k: int| 0 <= k < x@.len() ==> -0xffff_ffff <= #[trigger] x@[k] <= 0xffff_ffff,
            forall|k: int| 0 <= k < i ==> r@[k] == x@[k] * x@[k],
        decreases x@.len() - i,
    {
        let v: i64 = x[i];
        let size: u64 = if v < 0 {
            (-v) as u64
        } else {
            v as u64
        };
        assert(size * size == v * v && size * size <= 0xffff_ffff * 0xffff_ffff)
            by (nonlinear_arith)
            requires
                size == v || size == -v,
                0 <= size <= 0xffff_ffff,
        ;
        r.push(size * size);
        i += 1;
    }
    assert(r@.map_values(|v: u64| v as int) =~= squares(x@.map_values(|v: i64| v as int)));
    r
}

/// The distance between `x1` and `x2`, or `0` when `grad` is set.
pub fn l2(x1: &Vec<i32>, x2: &Vec<i32>, grad: bool) -> (d: u64)
    requires
        x1@.len() == x2@.len(),
    ensures
        d == (if grad {
            0
        } else {
            distance(x1@, x2@)
        }),
        d < INFINITE,
{
    if grad {
        return 0;
    }
    let n: usize = x1.len();
    let ghost items = squares(differences(x1@, x2@));
    let mut sum: u128 = 0;
    let mut i: usize = 0;
    while i < n
        invariant
            n == x1@.len(),
            n == x2@.len(),
            items == squares(differences(x1@, x2@)),
            i <= n,
            sum == total(items.take(i as int)),
            sum <= i * 0xffff_ffff_ffff_ffff,
        decreases n - i,
    {
        let gap: i64 = x1[i] as i64 - x2[i] as i64;
        let size: u64 = if gap < 0 {
            (-gap) as u64
        } else {
            gap as u64
        };
        proof {
            assert(size * size == gap * gap && size * size <= 0xffff_ffff * 0xffff_ffff)
                by (nonlinear_arith)
                requires
                    size == gap || size == -gap,
                    0 <= size <= 0xffff_ffff,
            ;
            assert(items[i as int] == gap * gap);
            assert(items.take(i + 1) =~= items.take(i as int).push(items[i as int]));
            lemma_total_push(items.take(i as int), items[i as int]);
            assert((i + 1) * 0xffff_ffff_ffff_ffff == i * 0xffff_ffff_ffff_ffff
                + 0xffff_ffff_ffff_ffff) by (nonlinear_arith);
            assert(i * 0xffff_ffff_ffff_ffff <= 0xffff_ffff_ffff_ffff * 0xffff_ffff_ffff_ffff)
                by (nonlinear_arith)
                requires
                    i <= 0xffff_ffff_ffff_ffff,
            ;
        }
        sum = sum + (size * size) as u128;
        i += 1;
    }
    assert(items.take(n as int) =~= items);
    isqrt(sum) / 2
}

/// Replaces each item of `x` by the sum of the items up to and including it.
pub fn cumsum(x: &mut Vec<u64>)
    requires
        total(old(x)@.map_values(|v: u64| v as int)) <= u64::MAX,
    ensures
        final(x)@.len() == old(x)@.len(),
        forall|i: int|
            0 <= i < old(x)@.len() ==> #[trigger] final(x)@[i] == total(
                old(x)@.map_values(|v: u64| v as int).take(i + 1),
            ),
{
    let ghost items = x@.map_values(|v: u64| v as int);
    let mut last: u64 = 0;
    let mut i: usize = 0;
    while i < x.len()
        invariant
            i <= x@.len(),
            x@.len() == items.len(),
            items == old(x)@.map_values(|v: u64| v as int),
            total(items) <= u64::MAX,
            last == total(items.take(i as int)),
            forall|k: int| 0 <= k < i ==> #[trigger] x@[k] == total(items.take(k + 1)),
            forall|k: int| i <= k < x@.len() ==> #[trigger] x@[k] == items[k],
        decreases x@.len() - i,
    {
        proof {
            assert(items.take(i + 1) =~= items.take(i as int).push(items[i as int]));
            lemma_total_push(items.take(i as int), items[i as int]);
            lemma_total_prefix(items, i + 1);
        }
        let value: u64 = x[i] + last;
        x.set(i, value);
        last = value;
        i += 1;
    }
}

/// `a / n`, rounded down.
pub fn floor_div(a: i128, n: usize) -> (q: i128)
    requires
        n > 0,
        a > i128::MIN,
    ensures
        q == (a as int) / (n as int),
{
    let d: u128 = n as u128;
    if a >= 0 {
        ((a as u128) / d) as i128
    } else {
        let below: u128 = (-(a + 1)) as u128;
        let steps: u128 = below / d;
        proof {
            let rest: int = below as int % d as int;
            assert(below == d * steps + rest) by (nonlinear_arith)
                requires
                    d > 0,
                    steps == below as int / d as int,
                    rest == below as int % d as int,
            ;
            assert(a == (-(steps as int) - 1) * d + (d - rest - 1)) by (nonlinear_arith)
                requires
                    a == -(below as int) - 1,
                    below == d * steps + rest,
            ;
            lemma_fundamental_div_mod_converse(
                a as int,
                d as int,
                -(steps as int) - 1,
                d - rest - 1,
            );
        }
        -(steps as i128) - 1
    }
}

/// Column `k` of `rows`.
pub open spec fn column(rows: Seq<Seq<i32>>, k: int) -> Seq<int> {
    Seq::new(rows.len(), |i: int| rows[i][k] as int)
}

/// The mean of `rows`, coordinate by coordinate, each rounded down.
pub open spec fn mean_of(rows: Seq<Seq<i32>>) -> Seq<int> {
    Seq::new(rows[0].len(), |k: int| total(column(rows, k)) / (rows.len() as int))
}

/// A mean of `n` numbers that each fit `i32` fits `i32`.
pub proof fn lemma_mean_fits(sum: int, n: int)
    requires
        n > 0,
        n * i32::MIN <= sum <= n * i32::MAX,
    ensures
        i32::MIN <= sum / n <= i32::MAX,
{
    let q = sum / n;
    let r = sum % n;
    assert(sum == n * q + r && 0 <= r < n) by (nonlinear_arith)
        requires
            n > 0,
            q == sum / n,
            r == sum % n,
    ;
    if q > i32::MAX {
        assert(n * q >= n * (i32::MAX + 1)) by (nonlinear_arith)
            requires
                n > 0,
                q >= i32::MAX + 1,
        ;
        assert(n * (i32::MAX + 1) == n * i32::MAX + n) by (nonlinear_arith);
    }
    if q < i32::MIN {
        assert(n * q <= n * (i32::MIN - 1)) by (nonlinear_arith)
            requires
                n > 0,
                q <= i32::MIN - 1,
        ;
        assert(n * (i32::MIN - 1) == n * i32::MIN - n) by (nonlinear_arith);
    }
}

/// The mean of the vectors, coordinate by coordinate, each rounded down.
pub fn mean_of_vec_arr(vector: &Vec<Vec<i32>>) -> (mean: Vec<i32>)
    requires
        vector@.len() > 0,
        forall|i: int|
            0 <= i < vector@.len() ==> (#[trigger] vector@[i])@.len() == vector@[0]@.len(),
    ensures
        mean@.map_values(|v: i32| v as int) == mean_of(rows_view(vector@)),
{
    let n: usize = vector.len();
    let width: usize = vector[0].len();
    let ghost rows = rows_view(vector@);
    let mut mean: Vec<i32> = Vec::new();
    let mut k: usize = 0;
    while k < width
        invariant
            n == vector@.len(),
            n > 0,
            width == vector@[0]@.len(),
            rows == rows_view(vector@),
            forall|i: int| 0 <= i < vector@.len() ==> (#[trigger] vector@[i])@.len() == width,
            k <= width,
            mean@.len() == k,
            forall|c: int|
                0 <= c < k ==> #[trigger] mean@[c] == total(column(rows, c)) / (n as int),
        decreases width - k,
    {
        let ghost items = column(rows, k as int);
        let mut sum: i128 = 0;
        let mut i: usize = 0;
        while i < n
            invariant
                n == vector@.len(),
                rows == rows_view(vector@),
                items == column(rows, k as int),
                forall|a: int| 0 <= a < vector@.len() ==> (#[trigger] vector@[a])@.len() == width,
                k < width,
                i <= n,
                sum == total(items.take(i as int)),
                i * i32::MIN <= sum <= i * i32::MAX,
            decreases n - i,
        {
            proof {
                assert(items.take(i + 1) =~= items.take(i as int).push(items[i as int]));
                lemma_total_push(items.take(i as int), items[i as int]);
                assert((i + 1) * i32::MIN == i * i32::MIN + i32::MIN) by (nonlinear_arith);
                assert((i + 1) * i32::MAX == i * i32::MAX + i32::MAX) by (nonlinear_arith);
                assert(i * i32::MAX <= usize::MAX * i32::MAX) by (nonlinear_arith)
                    requires
                        i <= usize::MAX,
                ;
                assert(i * i32::MIN >= usize::MAX * i32::MIN) by (nonlinear_arith)
                    requires
                        i <= usize::MAX,
                ;
            }
            sum = sum + vector[i][k] as i128;
            i += 1;
        }
        proof {
            assert(items.take(n as int) =~= items);
            lemma_mean_fits(sum as int, n as int);
        }
        mean.push(floor_div(sum, n) as i32);
        k += 1;
    }
    assert(mean@.map_values(|v: i32| v as int) =~= mean_of(rows));
    mean
}

/// The least distance from `p` to one of the first `k` of `centroids`,
/// leaving out the one at `own`; [`INFINITE`] when there is no other.
pub open spec fn nearest_other(p: Seq<i32>, own: int, centroids: Seq<Seq<i32>>, k: int) -> int
    decreases k,
{
    if k <= 0 {
        INFINITE as int
    } else {
        let rest = nearest_other(p, own, centroids, k - 1);
        if k - 1 != own && distance(p, centroids[k - 1]) < rest {
            distance(p, centroids[k - 1])
        } else {
            rest
        }
    }
}

/// The silhouette of one point: with `far` the larger of its distance to
/// its own centroid and its distance to the nearest other one, the share of
/// `far` by which the own centroid is nearer, in units of [`ONE`]. It is `0`
/// when `far` is zero or there is no other centroid.
pub open spec fn point_score(p: Seq<i32>, own: int, centroids: Seq<Seq<i32>>) -> int {
    let near = distance(p, centroids[own]);
    let other = nearest_other(p, own, centroids, centroids.len() as int);
    let far = if other > near {
        other
    } else {
        near
    };
    if far == 0 || far == INFINITE {
        0
    } else {
        (far - near) * ONE / far
    }
}

/// The score of every point, in row order.
pub open spec fn point_scores(
    points: Seq<Seq<i32>>,
    labels: Seq<i32>,
    centroids: Seq<Seq<i32>>,
) -> Seq<int> {
    Seq::new(points.len(), |i: int| point_score(points[i], labels[i] as int, centroids))
}

/// The silhouette score of a partition: the mean of the points' scores,
/// rounded down, and `0` for no points.
pub open spec fn silhouette(
    points: Seq<Seq<i32>>,
    labels: Seq<i32>,
    centroids: Seq<Seq<i32>>,
) -> int {
    if points.len() == 0 {
        0
    } else {
        total(point_scores(points, labels, centroids)) / (points.len() as int)
    }
}

/// Whether `labels` assigns each of `n` points one of `k` centroids.
pub open spec fn labels_within(labels: Seq<i32>, n: nat, k: nat) -> bool {
    &&& labels.len() == n
    &&& forall|i: int| 0 <= i < n ==> 0 <= #[trigger] labels[i] < k
}

/// A point's score lies between `0` and [`ONE`].
pub proof fn lemma_point_score_range(p: Seq<i32>, own: int, centroids: Seq<Seq<i32>>)
    requires
        0 <= distance(p, centroids[own]),
    ensures
        0 <= point_score(p, own, centroids) <= ONE,
{
    let near = distance(p, centroids[own]);
    let other = nearest_other(p, own, centroids, centroids.len() as int);
    let far = if other > near {
        other
    } else {
        near
    };
    if far != 0 && far != INFINITE {
        assert(0 <= (far - near) * ONE / far <= ONE) by (nonlinear_arith)
            requires
                0 <= near <= far,
                far > 0,
                ONE == 65536,
        ;
    }
}

/// The distance between two vectors is never negative.
pub proof fn lemma_distance_nonnegative(a: Seq<i32>, b: Seq<i32>)
    ensures
        0 <= distance(a, b),
{
    let s = squared_distance(a, b);
    let items = squares(differences(a, b));
    assert forall|i: int| 0 <= i < items.len() implies #[trigger] items[i] >= 0 by {
        let d = differences(a, b)[i];
        assert(d * d >= 0) by (nonlinear_arith);
    }
    lemma_total_nonnegative(items);
    lemma_floor_sqrt_exists(s);
}

/// Every non-negative number has a rounded-down square root.
pub proof fn lemma_floor_sqrt_exists(s: int)
    requires
        s >= 0,
    ensures
        is_floor_sqrt(s, floor_sqrt(s)),
    decreases s,
{
    if s == 0 {
        assert(is_floor_sqrt(0, 0));
    } else {
        lemma_floor_sqrt_exists(s - 1);
        let r = floor_sqrt(s - 1);
        if (r + 1) * (r + 1) <= s {
            assert((r + 2) * (r + 2) > s) by (nonlinear_arith)
                requires
                    r >= 0,
                    s - 1 < (r + 1) * (r + 1),
            ;
            assert(is_floor_sqrt(s, r + 1));
        } else {
            assert(is_floor_sqrt(s, r));
        }
    }
}

/// The silhouette score of the partition `assignments` of the rows of `x`
/// around `centroids`, in units of [`ONE`].
pub fn silhouette_score(x: &Matrix, assignments: &Vec<i32>, centroids: &Matrix) -> (score: i32)
    requires
        matrix_cols(*x) == matrix_cols(*centroids),
        labels_within(assignments@, x@.len(), centroids@.len()),
    ensures
        score == silhouette(x@, assignments@, centroids@),
        0 <= score <= ONE,
{
    let n: usize = x.nrows();
    let k: usize = centroids.nrows();
    if n == 0 {
        return 0;
    }
    let ghost scores = point_scores(x@, assignments@, centroids@);
    let mut sum: u128 = 0;
    let mut i: usize = 0;
    while i < n
        invariant
            n == x@.len(),
            k == centroids@.len(),
            matrix_cols(*x) == matrix_cols(*centroids),
            labels_within(assignments@, x@.len(), centroids@.len()),
            scores == point_scores(x@, assignments@, centroids@),
            i <= n,
            sum == total(scores.take(i as int)),
            sum <= i * ONE,
        decreases n - i,
    {
        let point = x.row(i);
        let own: usize = assignments[i] as usize;
        let parent_dist: u64 = l2(&point, &centroids.row(own), false);
        let mut maximum: u64 = INFINITE;
        let mut j: usize = 0;
        while j < k
            invariant
                k == centroids@.len(),
                matrix_cols(*x) == matrix_cols(*centroids),
                i < x@.len(),
                point@ == x@[i as int],
                j <= k,
                maximum == nearest_other(point@, own as int, centroids@, j as int),
            decreases k - j,
        {
            if j != own {
                let dist: u64 = l2(&point, &centroids.row(j), false);
                if dist < maximum {
                    maximum = dist;
                }
            }
            j += 1;
        }
        maximum = max(vec![maximum, parent_dist]);
        let mut gained: u128 = 0;
        if !(maximum == 0 || maximum == INFINITE) {
            assert((maximum - parent_dist) * ONE <= 0xffff_ffff_ffff_ffff * 65536)
                by (nonlinear_arith)
                requires
                    0 <= maximum - parent_dist <= 0xffff_ffff_ffff_ffff,
                    ONE == 65536,
            ;
            gained = ((maximum - parent_dist) as u128 * (ONE as u128)) / (maximum as u128);
        }
        proof {
            assert(gained == scores[i as int]);
            lemma_distance_nonnegative(point@, centroids@[own as int]);
            lemma_point_score_range(point@, own as int, centroids@);
            assert(scores.take(i + 1) =~= scores.take(i as int).push(scores[i as int]));
            lemma_total_push(scores.take(i as int), scores[i as int]);
            assert((i + 1) * ONE == i * ONE + ONE) by (nonlinear_arith);
            assert(i * ONE <= usize::MAX * ONE) by (nonlinear_arith)
                requires
                    i <= usize::MAX,
            ;
        }
        sum = sum + gained;
        i += 1;
    }
    proof {
        assert(scores.take(n as int) =~= scores);
        assert(0 <= sum as int / n as int <= ONE) by (nonlinear_arith)
            requires
                0 <= sum <= n * ONE,
                n > 0,
                ONE == 65536,
        ;
    }
    (sum / (n as u128)) as i32
}

} // verus!
