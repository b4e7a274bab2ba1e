//! The point matrix.

use crate::error::ClusterError;
use ndarray::Array2;
use vstd::prelude::*;

verus! {

/// A dense matrix of fixed-point numbers, one point or centroid per row.
///
/// The cells live in an `ndarray::Array2<i32>`. Verus does not look inside:
/// what the matrix holds is named by [`matrix_rows`], [`matrix_cols`] and
/// [`matrix_cells`], and the view `m@` arranges those as a sequence of rows,
/// all of the same length.
#[verifier::external_body]
pub struct Matrix {
    inner: Array2<i32>,
}

/// The number of rows of the array inside `m` (the length of its axis 0).
pub uninterp spec fn matrix_rows(m: Matrix) -> nat;

/// The number of columns of the array inside `m` (the length of its axis 1).
pub uninterp spec fn matrix_cols(m: Matrix) -> nat;

/// The cells of the array inside `m`, keyed by row and column.
pub uninterp spec fn matrix_cells(m: Matrix) -> Map<(int, int), i32>;

impl View for Matrix {
    type V = Seq<Seq<i32>>;

    open spec fn view(&self) -> Seq<Seq<i32>> {
        Seq::new(
            matrix_rows(*self),
            |i: int| Seq::new(matrix_cols(*self), |j: int| matrix_cells(*self)[(i, j)]),
        )
    }
}

/// Whether an array of `rows` by `cols` four-byte cells can be allocated:
/// neither axis nor the byte count may pass `isize::MAX`.
pub open spec fn shape_fits(rows: nat, cols: nat) -> bool {
    &&& rows <= isize::MAX
    &&& cols <= isize::MAX
    &&& rows * cols * 4 <= isize::MAX
}

/// `Array2::zeros((rows, cols))`: an array of that shape with `0` in every
/// cell. The call panics when the shape overflows, which `requires` rules
/// out.
#[verifier::external_body]
fn array_zeros(rows: usize, cols: usize) -> (m: Matrix)
    requires
        shape_fits(rows as nat, cols as nat),
    ensures
        matrix_rows(m) == rows,
        matrix_cols(m) == cols,
        forall|i: int, j: int|
            0 <= i < rows && 0 <= j < cols ==> #[trigger] matrix_cells(m)[(i, j)] == 0,
{
    Matrix { inner: Array2::zeros((rows, cols)) }
}

/// `ArrayBase::nrows`: the length of axis 0.
#[verifier::external_body]
fn array_nrows(m: &Matrix) -> (n: usize)
    ensures
        n == matrix_rows(*m),
{
    m.inner.nrows()
}

/// `ArrayBase::ncols`: the length of axis 1.
#[verifier::external_body]
fn array_ncols(m: &Matrix) -> (n: usize)
    ensures
        n == matrix_cols(*m),
{
    m.inner.ncols()
}

/// Indexing by `[[i, j]]`: the cell in row `i`, column `j`. It panics out of
/// bounds, which `requires` rules out.
#[verifier::external_body]
fn array_get(m: &Matrix, i: usize, j: usize) -> (v: i32)
    requires
        i < matrix_rows(*m),
        j < matrix_cols(*m),
    ensures
        v == matrix_cells(*m)[(i as int, j as int)],
{
    m.inner[[i, j]]
}

/// Assignment through `[[i, j]]`: that one cell changes, the shape and all
/// other cells stay. It panics out of bounds, which `requires` rules out.
#[verifier::external_body]
fn array_set(m: &mut Matrix, i: usize, j: usize, v: i32)
    requires
        i < matrix_rows(*old(m)),
        j < matrix_cols(*old(m)),
    ensures
        matrix_rows(*final(m)) == matrix_rows(*old(m)),
        matrix_cols(*final(m)) == matrix_cols(*old(m)),
        matrix_cells(*final(m)) == matrix_cells(*old(m)).insert((i as int, j as int), v),
{
    m.inner[[i, j]] = v;
}

/// `Array2::clone`: an array of the same shape with the same cells.
#[verifier::external_body]
fn array_clone(m: &Matrix) -> (c: Matrix)
    ensures
        matrix_rows(c) == matrix_rows(*m),
        matrix_cols(c) == matrix_cols(*m),
        matrix_cells(c) == matrix_cells(*m),
{
    Matrix { inner: m.inner.clone() }
}

/// A matrix of `rows` rows, each `cols` zeros.
pub open spec fn zero_rows(rows: nat, cols: nat) -> Seq<Seq<i32>> {
    Seq::new(rows, |i: int| Seq::new(cols, |j: int| 0i32))
}

/// Whether all of `rows` have the length `cols`.
pub open spec fn all_rows_have(rows: Seq<Vec<i32>>, cols: nat) -> bool {
    forall|i: int| 0 <= i < rows.len() ==> (#[trigger] rows[i])@.len() == cols
}

/// The length of the first of `rows`, `0` when there is none.
pub open spec fn first_row_len(rows: Seq<Vec<i32>>) -> nat {
    if rows.len() == 0 {
        0
    } else {
        rows[0]@.len()
    }
}

/// `rows` with each vector replaced by its view.
pub open spec fn rows_view(rows: Seq<Vec<i32>>) -> Seq<Seq<i32>> {
    Seq::new(rows.len(), |i: int| rows[i]@)
}

/// Whether `rows * cols * 4` bytes fit, decided without overflow.
pub(crate) fn shape_check(rows: usize, cols: usize) -> (ok: bool)
    ensures
        ok == shape_fits(rows as nat, cols as nat),
{
    let limit: usize = isize::MAX as usize;
    if rows > limit || cols > limit {
        return false;
    }
    if rows == 0 || cols == 0 {
        assert(rows * cols * 4 == 0) by (nonlinear_arith)
            requires
                rows == 0 || cols == 0,
        ;
        return true;
    }
    let per_row: usize = limit / 4;
    if cols > per_row {
        assert(rows * cols * 4 > isize::MAX) by (nonlinear_arith)
            requires
                rows >= 1,
                cols * 4 > isize::MAX,
        ;
        return false;
    }
    let quota: usize = per_row / cols;
    if rows > quota {
        assert(rows * cols * 4 > isize::MAX) by (nonlinear_arith)
            requires
                cols >= 1,
                rows >= quota + 1,
                quota == (isize::MAX as int / 4) / (cols as int),
        {
            let p: int = isize::MAX as int / 4;
            assert(p == (cols as int) * (p / (cols as int)) + p % (cols as int));
            assert(p % (cols as int) < cols);
            assert(rows * cols >= (quota + 1) * cols);
        }
        false
    } else {
        assert(rows * cols * 4 <= isize::MAX) by (nonlinear_arith)
            requires
                cols >= 1,
                rows <= quota,
                quota == (isize::MAX as int / 4) / (cols as int),
        {
            let p: int = isize::MAX as int / 4;
            assert(p == (cols as int) * (p / (cols as int)) + p % (cols as int));
            assert(p % (cols as int) >= 0);
            assert(rows * cols <= quota * cols);
        }
        true
    }
}

/// A matrix of the given shape, zero everywhere.
pub(crate) fn zero_matrix(rows: usize, cols: usize) -> (m: Matrix)
    requires
        shape_fits(rows as nat, cols as nat),
    ensures
        matrix_rows(m) == rows,
        matrix_cols(m) == cols,
        m@ == zero_rows(rows as nat, cols as nat),
{
    let m = array_zeros(rows, cols);
    assert(m@ =~~= zero_rows(rows as nat, cols as nat));
    m
}

/// A shape that fits still fits with fewer rows.
pub proof fn lemma_shape_fits_fewer(rows: nat, fewer: nat, cols: nat)
    requires
        shape_fits(rows, cols),
        fewer <= rows,
    ensures
        shape_fits(fewer, cols),
{
    assert(fewer * cols * 4 <= rows * cols * 4) by (nonlinear_arith)
        requires
            fewer <= rows,
    ;
}

impl Matrix {
    /// The number of rows.
    pub fn nrows(&self) -> (n: usize)
        ensures
            n == self@.len(),
            n == matrix_rows(*self),
    {
        array_nrows(self)
    }

    /// The number of columns.
    pub fn ncols(&self) -> (n: usize)
        ensures
            n == matrix_cols(*self),
            forall|i: int| 0 <= i < self@.len() ==> (#[trigger] self@[i]).len() == n,
    {
        array_ncols(self)
    }

    /// The cell in row `i`, column `j`.
    pub fn get(&self, i: usize, j: usize) -> (v: i32)
        requires
            i < self@.len(),
            j < matrix_cols(*self),
        ensures
            v == self@[i as int][j as int],
    {
        array_get(self, i, j)
    }

    /// Writes `v` into row `i`, column `j`; nothing else changes.
    pub fn set(&mut self, i: usize, j: usize, v: i32)
        requires
            i < old(self)@.len(),
            j < matrix_cols(*old(self)),
        ensures
            matrix_rows(*final(self)) == matrix_rows(*old(self)),
            matrix_cols(*final(self)) == matrix_cols(*old(self)),
            final(self)@ == old(self)@.update(i as int, old(self)@[i as int].update(j as int, v)),
    {
        array_set(self, i, j, v);
        assert(self@ =~~= old(self)@.update(i as int, old(self)@[i as int].update(j as int, v)));
    }

    /// A matrix of the given shape, zero everywhere, or `TooLarge` when
    /// such a shape cannot be allocated.
    pub fn zeros(rows: usize, cols: usize) -> (r: Result<Matrix, ClusterError>)
        ensures
            r is Ok <==> shape_fits(rows as nat, cols as nat),
            r matches Ok(m) ==> {
                &&& matrix_rows(m) == rows
                &&& matrix_cols(m) == cols
                &&& m@ == zero_rows(rows as nat, cols as nat)
            },
            r matches Err(e) ==> e == ClusterError::TooLarge,
    {
        if shape_check(rows, cols) {
            Ok(zero_matrix(rows, cols))
        } else {
            Err(ClusterError::TooLarge)
        }
    }

    /// A copy of row `i`.
    pub fn row(&self, i: usize) -> (r: Vec<i32>)
        requires
            i < self@.len(),
        ensures
            r@ == self@[i as int],
    {
        let cols: usize = array_ncols(self);
        let mut r: Vec<i32> = Vec::new();
        let mut j: usize = 0;
        while j < cols
            invariant
                i < matrix_rows(*self),
                cols == matrix_cols(*self),
                j <= cols,
                r@.len() == j,
                forall|k: int| 0 <= k < j ==> r@[k] == self@[i as int][k],
            decreases cols - j,
        {
            r.push(array_get(self, i, j));
            j += 1;
        }
        assert(r@ =~= self@[i as int]);
        r
    }

    /// The matrix whose rows are `rows`.
    ///
    /// The column count is the length of the first row, `0` when there is
    /// none. Rows of unequal length give `RaggedRows`; a shape that cannot
    /// be allocated gives `TooLarge`.
    pub fn from_rows(rows: &Vec<Vec<i32>>) -> (r: Result<Matrix, ClusterError>)
        ensures
            r matches Ok(m) ==> {
                &&& m@ == rows_view(rows@)
                &&& matrix_rows(m) == rows@.len()
                &&& matrix_cols(m) == first_row_len(rows@)
            },
            r is Ok <==> all_rows_have(rows@, first_row_len(rows@)) && shape_fits(
                rows@.len(),
                first_row_len(rows@),
            ),
            r matches Err(e) ==> e == (if all_rows_have(rows@, first_row_len(rows@)) {
                ClusterError::TooLarge
            } else {
                ClusterError::RaggedRows
            }),
    {
        let n: usize = rows.len();
        let cols: usize = if n == 0 {
            0
        } else {
            rows[0].len()
        };
        let mut i: usize = 0;
        while i < n
            invariant
                n == rows@.len(),
                i <= n,
                cols == first_row_len(rows@),
                forall|k: int| 0 <= k < i ==> (#[trigger] rows@[k])@.len() == cols,
            decreases n - i,
        {
            if rows[i].len() != cols {
                return Err(ClusterError::RaggedRows);
            }
            i += 1;
        }
        if !shape_check(n, cols) {
            return Err(ClusterError::TooLarge);
        }
        let mut m = array_zeros(n, cols);
        let mut i: usize = 0;
        while i < n
            invariant
                n == rows@.len(),
                i <= n,
                all_rows_have(rows@, cols as nat),
                matrix_rows(m) == n,
                matrix_cols(m) == cols,
                forall|a: int, b: int|
                    0 <= a < i && 0 <= b < cols ==> #[trigger] matrix_cells(m)[(a, b)]
                        == rows@[a]@[b],
            decreases n - i,
        {
            let mut j: usize = 0;
            while j < cols
                invariant
                    n == rows@.len(),
                    i < n,
                    j <= cols,
                    rows@[i as int]@.len() == cols,
                    matrix_rows(m) == n,
                    matrix_cols(m) == cols,
                    forall|a: int, b: int|
                        0 <= a < i && 0 <= b < cols ==> #[trigger] matrix_cells(m)[(a, b)]
                            == rows@[a]@[b],
                    forall|b: int|
                        0 <= b < j ==> #[trigger] matrix_cells(m)[(i as int, b)]
                            == rows@[i as int]@[b],
                decreases cols - j,
            {
                array_set(&mut m, i, j, rows[i][j]);
                j += 1;
            }
            i += 1;
        }
        assert(m@ =~~= rows_view(rows@));
        Ok(m)
    }

    /// The rows, copied out.
    pub fn to_rows(&self) -> (rows: Vec<Vec<i32>>)
        ensures
            rows_view(rows@) == self@,
    {
        let n: usize = array_nrows(self);
        let mut rows: Vec<Vec<i32>> = Vec::new();
        let mut i: usize = 0;
        while i < n
            invariant
                n == matrix_rows(*self),
                i <= n,
                rows@.len() == i,
                forall|k: int| 0 <= k < i ==> (#[trigger] rows@[k])@ == self@[k],
            decreases n - i,
        {
            rows.push(self.row(i));
            i += 1;
        }
        assert(rows_view(rows@) =~= self@);
        rows
    }

    /// Whether `self` and `other` have the same shape and the same cells.
    pub fn same_as(&self, other: &Matrix) -> (same: bool)
        ensures
            same == (self@ == other@ && matrix_cols(*self) == matrix_cols(*other)),
    {
        let n: usize = array_nrows(self);
        let cols: usize = array_ncols(self);
        if array_nrows(other) != n || array_ncols(other) != cols {
            assert(self@.len() == n && other@.len() == matrix_rows(*other));
            return false;
        }
        let mut i: usize = 0;
        while i < n
            invariant
                n == matrix_rows(*self),
                n == matrix_rows(*other),
                cols == matrix_cols(*self),
                cols == matrix_cols(*other),
                i <= n,
                forall|k: int| 0 <= k < i ==> #[trigger] self@[k] == other@[k],
            decreases n - i,
        {
            let mut j: usize = 0;
            while j < cols
                invariant
                    n == matrix_rows(*self),
                    n == matrix_rows(*other),
                    cols == matrix_cols(*self),
                    cols == matrix_cols(*other),
                    i < n,
                    j <= cols,
                    forall|b: int| 0 <= b < j ==> self@[i as int][b] == other@[i as int][b],
                decreases cols - j,
            {
                if array_get(self, i, j) != array_get(other, i, j) {
                    assert(self@[i as int][j as int] != other@[i as int][j as int]);
                    return false;
                }
                j += 1;
            }
            assert(self@[i as int] =~= other@[i as int]);
            i += 1;
        }
        assert(self@ =~= other@);
        true
    }
}

impl Clone for Matrix {
    fn clone(&self) -> (c: Matrix)
        ensures
            c@ == self@,
            matrix_rows(c) == matrix_rows(*self),
            matrix_cols(c) == matrix_cols(*self),
    {
        let c = array_clone(self);
        assert(c@ =~~= self@);
        c
    }
}

} // verus!
