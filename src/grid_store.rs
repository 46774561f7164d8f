//! The two-dimensional storage of the maze, held in `grid::Grid`.
//!
//! A grid is modelled as a sequence of rows, each a sequence of cells. The
//! `grid` crate keeps an empty grid (zero rows or zero columns) as zero rows
//! of zero columns, which this model reflects.
use grid::Grid;
use vstd::prelude::*;

use crate::maze::TileState;

verus! {

#[verifier::external_type_specification]
#[verifier::external_body]
#[verifier::reject_recursive_types(T)]
pub struct ExGrid<T>(Grid<T>);

/// Relies on `Grid`'s `Clone`, which copies the grid; nothing is stated of
/// the copy.
pub assume_specification<T: Clone>[ <Grid<T> as Clone>::clone ](g: &Grid<T>) -> Grid<T>;

/// The cells of a tile grid, row by row.
pub uninterp spec fn tile_rows(g: Grid<TileState>) -> Seq<Seq<TileState>>;

/// The cells of a flag grid, row by row.
pub uninterp spec fn flag_rows(g: Grid<bool>) -> Seq<Seq<bool>>;

/// `s` holds `rows` rows of `cols` cells each, or nothing when either is zero.
pub open spec fn has_shape<T>(s: Seq<Seq<T>>, rows: int, cols: int) -> bool {
    if rows == 0 || cols == 0 {
        s.len() == 0
    } else {
        &&& s.len() == rows
        &&& forall|i: int| 0 <= i < rows ==> #[trigger] s[i].len() == cols
    }
}

/// Whether `(r, c)` names a cell of `s`.
pub open spec fn in_grid<T>(s: Seq<Seq<T>>, r: int, c: int) -> bool {
    0 <= r < s.len() && 0 <= c < s[r].len()
}

/// `s` with the cell at `(r, c)` replaced by `v`.
pub open spec fn set_cell<T>(s: Seq<Seq<T>>, r: int, c: int, v: T) -> Seq<Seq<T>> {
    s.update(r, s[r].update(c, v))
}

/// What `Grid::get` yields at `(r, c)`: the cell, or nothing out of bounds.
pub open spec fn cell_at<T>(s: Seq<Seq<T>>, r: int, c: int) -> Option<T> {
    if in_grid(s, r, c) {
        Some(s[r][c])
    } else {
        None
    }
}

/// Relies on `Grid::new`: `rows` by `cols` default cells (`Wall`), or an empty
/// grid when either is zero; it panics only when the cell count overflows.
#[verifier::external_body]
pub(crate) fn new_tile_grid(rows: usize, cols: usize) -> (g: Grid<TileState>)
    requires
        rows * cols <= usize::MAX,
    ensures
        has_shape(tile_rows(g), rows as int, cols as int),
        forall|i: int, j: int| #[trigger]
            in_grid(tile_rows(g), i, j) ==> tile_rows(g)[i][j] == TileState::Wall,
{
    Grid::new(rows, cols)
}

/// Relies on `Grid::init`: `rows` by `cols` copies of `v`, or an empty grid
/// when either is zero; it panics only when the cell count overflows.
#[verifier::external_body]
pub(crate) fn new_flag_grid(rows: usize, cols: usize, v: bool) -> (g: Grid<bool>)
    requires
        rows * cols <= usize::MAX,
    ensures
        has_shape(flag_rows(g), rows as int, cols as int),
        forall|i: int, j: int| #[trigger] in_grid(flag_rows(g), i, j) ==> flag_rows(g)[i][j] == v,
{
    Grid::init(rows, cols, v)
}

/// Relies on `Grid::get`: the cell at row `r`, column `c`, if it is in bounds.
#[verifier::external_body]
pub(crate) fn tile_at(g: &Grid<TileState>, r: usize, c: usize) -> (t: Option<TileState>)
    ensures
        t == cell_at(tile_rows(*g), r as int, c as int),
{
    g.get(r, c).copied()
}

/// Relies on `Grid::get`: the cell at row `r`, column `c`, if it is in bounds.
#[verifier::external_body]
pub(crate) fn flag_at(g: &Grid<bool>, r: usize, c: usize) -> (t: Option<bool>)
    ensures
        t == cell_at(flag_rows(*g), r as int, c as int),
{
    g.get(r, c).copied()
}

/// Relies on `Grid::get_mut`: writes `v` into the cell at row `r`, column `c`.
#[verifier::external_body]
pub(crate) fn set_tile(g: &mut Grid<TileState>, r: usize, c: usize, v: TileState)
    requires
        in_grid(tile_rows(*old(g)), r as int, c as int),
    ensures
        tile_rows(*final(g)) == set_cell(tile_rows(*old(g)), r as int, c as int, v),
{
    *g.get_mut(r, c).unwrap() = v;
}

/// Relies on `Grid::get_mut`: writes `v` into the cell at row `r`, column `c`.
#[verifier::external_body]
pub(crate) fn set_flag(g: &mut Grid<bool>, r: usize, c: usize, v: bool)
    requires
        in_grid(flag_rows(*old(g)), r as int, c as int),
    ensures
        flag_rows(*final(g)) == set_cell(flag_rows(*old(g)), r as int, c as int, v),
{
    *g.get_mut(r, c).unwrap() = v;
}

/// How many cells of the row `r` are unset.
pub open spec fn unset_in_row(r: Seq<bool>) -> nat
    decreases r.len(),
{
    if r.len() == 0 {
        0
    } else {
        unset_in_row(r.drop_last()) + if r.last() {
            0nat
        } else {
            1nat
        }
    }
}

/// How many cells of `s` are unset.
pub open spec fn unset_count(s: Seq<Seq<bool>>) -> nat
    decreases s.len(),
{
    if s.len() == 0 {
        0
    } else {
        unset_count(s.drop_last()) + unset_in_row(s.last())
    }
}

/// Setting one unset cell of a row lowers its unset count by one.
pub proof fn lemma_row_set_one(r: Seq<bool>, i: int)
    requires
        0 <= i < r.len(),
        !r[i],
    ensures
        unset_in_row(r.update(i, true)) + 1 == unset_in_row(r),
    decreases r.len(),
{
    let u = r.update(i, true);
    if i == r.len() - 1 {
        assert(u.drop_last() =~= r.drop_last());
    } else {
        assert(u.drop_last() =~= r.drop_last().update(i, true));
        lemma_row_set_one(r.drop_last(), i);
    }
}

/// Setting one unset cell of a grid lowers its unset count by one.
pub proof fn lemma_grid_set_one(s: Seq<Seq<bool>>, r: int, c: int)
    requires
        in_grid(s, r, c),
        !s[r][c],
    ensures
        unset_count(set_cell(s, r, c, true)) + 1 == unset_count(s),
    decreases s.len(),
{
    let u = set_cell(s, r, c, true);
    if r == s.len() - 1 {
        assert(u.drop_last() =~= s.drop_last());
        lemma_row_set_one(s[r], c);
    } else {
        assert(u.drop_last() =~= set_cell(s.drop_last(), r, c, true));
        lemma_grid_set_one(s.drop_last(), r, c);
    }
}

/// The sum of `f(i, j)` over `j` in `0..n`.
pub open spec fn row_sum(f: spec_fn(int, int) -> int, i: int, n: int) -> int
    decreases n,
{
    if n <= 0 {
        0
    } else {
        row_sum(f, i, n - 1) + f(i, n - 1)
    }
}

/// The sum of `f(i, j)` over `i` in `0..m` and `j` in `0..n`.
pub open spec fn grid_sum(f: spec_fn(int, int) -> int, m: int, n: int) -> int
    decreases m,
{
    if m <= 0 {
        0
    } else {
        grid_sum(f, m - 1, n) + row_sum(f, m - 1, n)
    }
}

/// Two terms that agree on a row but at column `b` have row sums that differ
/// by their difference there.
pub proof fn lemma_row_sum_point(
    f: spec_fn(int, int) -> int,
    g: spec_fn(int, int) -> int,
    i: int,
    n: int,
    b: int,
)
    requires
        forall|j: int| 0 <= j < n && j != b ==> #[trigger] f(i, j) == g(i, j),
    ensures
        row_sum(g, i, n) == row_sum(f, i, n) + if 0 <= b < n {
            g(i, b) - f(i, b)
        } else {
            0
        },
    decreases n,
{
    if n > 0 {
        lemma_row_sum_point(f, g, i, n - 1, b);
    }
}

/// Two terms that agree on a grid but at `(a, b)` have sums that differ by
/// their difference there.
pub proof fn lemma_grid_sum_point(
    f: spec_fn(int, int) -> int,
    g: spec_fn(int, int) -> int,
    m: int,
    n: int,
    a: int,
    b: int,
)
    requires
        forall|i: int, j: int|
            0 <= i < m && 0 <= j < n && (i, j) != (a, b) ==> #[trigger] f(i, j) == g(i, j),
    ensures
        grid_sum(g, m, n) == grid_sum(f, m, n) + if 0 <= a < m && 0 <= b < n {
            g(a, b) - f(a, b)
        } else {
            0
        },
    decreases m,
{
    if m > 0 {
        lemma_grid_sum_point(f, g, m - 1, n, a, b);
        if m - 1 == a {
            lemma_row_sum_point(f, g, m - 1, n, b);
        } else {
            lemma_row_sum_point(f, g, m - 1, n, -1);
        }
    }
}

/// A sum of terms that are never negative is never negative.
pub proof fn lemma_grid_sum_nonneg(f: spec_fn(int, int) -> int, m: int, n: int)
    requires
        forall|i: int, j: int| 0 <= i < m && 0 <= j < n ==> #[trigger] f(i, j) >= 0,
    ensures
        grid_sum(f, m, n) >= 0,
    decreases m,
{
    if m > 0 {
        lemma_grid_sum_nonneg(f, m - 1, n);
        lemma_row_sum_nonneg(f, m - 1, n);
    }
}

/// A row sum of terms that are never negative is never negative.
pub proof fn lemma_row_sum_nonneg(f: spec_fn(int, int) -> int, i: int, n: int)
    requires
        forall|j: int| 0 <= j < n ==> #[trigger] f(i, j) >= 0,
    ensures
        row_sum(f, i, n) >= 0,
    decreases n,
{
    if n > 0 {
        lemma_row_sum_nonneg(f, i, n - 1);
    }
}

} // verus!
