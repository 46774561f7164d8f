//! The shape of the carved passages: which cells are open, when a cell may
//! be carved, and the properties that carving keeps (corridors one cell wide,
//! no corner contacts, one link fewer than carved cells).
use vstd::prelude::*;

use crate::grid_store::{
    cell_at, grid_sum, in_grid, lemma_grid_sum_nonneg, lemma_grid_sum_point, set_cell,
};
use crate::maze::{Direction, TileState};

verus! {

/// Whether `a` comes before `b` in row-major order.
pub open spec fn before(a: (int, int), b: (int, int)) -> bool {
    a.0 < b.0 || (a.0 == b.0 && a.1 < b.1)
}

/// The cell at `(x, y)` holds `t`, and no other cell does.
pub open spec fn only_at(s: Seq<Seq<TileState>>, t: TileState, x: int, y: int) -> bool {
    &&& in_grid(s, x, y)
    &&& s[x][y] == t
    &&& forall|i: int, j: int|
        #![trigger s[i][j]]
        in_grid(s, i, j) && (i, j) != (x, y) ==> s[i][j] != t
}

/// Every cell is a wall or a carved passage: no entry or exit is marked.
pub open spec fn unmarked(s: Seq<Seq<TileState>>) -> bool {
    forall|i: int, j: int|
        #![trigger s[i][j]]
        in_grid(s, i, j) ==> s[i][j] == TileState::Wall || s[i][j] == TileState::Empty
}

/// Every cell that is not a wall has been visited.
pub open spec fn carved_seen(cells: Seq<Seq<TileState>>, seen: Seq<Seq<bool>>) -> bool {
    forall|i: int, j: int|
        #![trigger cells[i][j]]
        in_grid(cells, i, j) && cells[i][j] != TileState::Wall ==> seen[i][j]
}

/// The number of columns of a rectangular grid.
pub open spec fn cols_of(s: Seq<Seq<TileState>>) -> int {
    if s.len() > 0 {
        s[0].len() as int
    } else {
        0
    }
}

/// One for a carved cell, zero otherwise.
pub open spec fn open_term(s: Seq<Seq<TileState>>) -> spec_fn(int, int) -> int {
    |i: int, j: int|
        if is_open(s, i, j) {
            1int
        } else {
            0int
        }
}

/// The carved cells that `(i, j)`, itself carved, touches on its far side
/// along each axis.
pub open spec fn link_term(s: Seq<Seq<TileState>>) -> spec_fn(int, int) -> int {
    |i: int, j: int|
        (if is_open(s, i, j) && is_open(s, i + 1, j) {
            1int
        } else {
            0int
        }) + (if is_open(s, i, j) && is_open(s, i, j + 1) {
            1int
        } else {
            0int
        })
}

/// How many cells are carved.
pub open spec fn carved_count(s: Seq<Seq<TileState>>) -> int {
    grid_sum(open_term(s), s.len() as int, cols_of(s))
}

/// How many pairs of orthogonally adjacent cells are both carved.
pub open spec fn link_count(s: Seq<Seq<TileState>>) -> int {
    grid_sum(link_term(s), s.len() as int, cols_of(s))
}

/// Whether `(x, y)` lies in the grid and has been carved.
pub open spec fn is_open(s: Seq<Seq<TileState>>, x: int, y: int) -> bool {
    in_grid(s, x, y) && s[x][y] != TileState::Wall
}

/// One step down from `v`, staying at zero.
pub open spec fn step_down(v: int) -> int {
    if v == 0 {
        0
    } else {
        v - 1
    }
}

/// Whether the cells around `(x, y)`, reached by a step in direction `d`, are
/// walls, except those on the side the step came from (the cell behind it and
/// the two diagonals flanking that edge).
pub open spec fn isolated(cells: Seq<Seq<TileState>>, x: int, y: int, d: Direction) -> bool {
    let xs = step_down(x);
    let ys = step_down(y);
    &&& (is_open(cells, x + 1, y) ==> d == Direction::West)
    &&& (is_open(cells, x, y + 1) ==> d == Direction::South)
    &&& (is_open(cells, x + 1, y + 1) ==> d == Direction::South || d == Direction::West)
    &&& (is_open(cells, xs, y) ==> d == Direction::East)
    &&& (is_open(cells, xs, y + 1) ==> d == Direction::South || d == Direction::East)
    &&& (is_open(cells, x, ys) ==> d == Direction::North)
    &&& (is_open(cells, x + 1, ys) ==> d == Direction::North || d == Direction::West)
    &&& (is_open(cells, xs, ys) ==> d == Direction::North || d == Direction::East)
}

/// Whether carving `(x, y)`, reached by a step in direction `d`, keeps the
/// passages apart: the cell is unvisited and isolated.
pub open spec fn valid_neighbour(
    cells: Seq<Seq<TileState>>,
    seen: Seq<Seq<bool>>,
    x: int,
    y: int,
    d: Direction,
) -> bool {
    isolated(cells, x, y, d) && cell_at(seen, x, y) == Some(false)
}

/// The cell from which a step in direction `d` reaches `(x, y)`.
pub open spec fn arrived_from(x: int, y: int, d: Direction) -> (int, int) {
    match d {
        Direction::North => (x, y - 1),
        Direction::South => (x, y + 1),
        Direction::East => (x - 1, y),
        Direction::West => (x + 1, y),
    }
}

/// No two-by-two square of cells is carved: passages are one cell wide.
pub open spec fn no_open_square(s: Seq<Seq<TileState>>) -> bool {
    forall|x: int, y: int|
        #![trigger is_open(s, x, y)]
        is_open(s, x, y) && is_open(s, x + 1, y) && is_open(s, x, y + 1) ==> !is_open(
            s,
            x + 1,
            y + 1,
        )
}

/// Two diagonally adjacent carved cells always share a carved orthogonal
/// neighbour: passages never touch at a corner alone.
pub open spec fn no_corner_contact(s: Seq<Seq<TileState>>) -> bool {
    forall|x: int, y: int|
        #![trigger is_open(s, x, y)]
        (is_open(s, x, y) && is_open(s, x + 1, y + 1) ==> is_open(s, x + 1, y) || is_open(
            s,
            x,
            y + 1,
        )) && (is_open(s, x + 1, y) && is_open(s, x, y + 1) ==> is_open(s, x, y) || is_open(
            s,
            x + 1,
            y + 1,
        ))
}

/// Carving an isolated wall cell next to the carved cell it was reached from
/// keeps passages one cell wide and free of corner contacts.
pub proof fn lemma_carve_isolated(s: Seq<Seq<TileState>>, x: int, y: int, d: Direction)
    requires
        no_open_square(s),
        no_corner_contact(s),
        in_grid(s, x, y),
        !is_open(s, x, y),
        isolated(s, x, y, d),
        is_open(s, arrived_from(x, y, d).0, arrived_from(x, y, d).1),
    ensures
        no_open_square(set_cell(s, x, y, TileState::Empty)),
        no_corner_contact(set_cell(s, x, y, TileState::Empty)),
{
    let n = set_cell(s, x, y, TileState::Empty);
    assert forall|a: int, b: int| #[trigger]
        is_open(n, a, b) == (is_open(s, a, b) || (a == x && b == y)) by {}
    assert forall|a: int, b: int| #![trigger is_open(n, a, b)]
        is_open(n, a, b) && is_open(n, a + 1, b) && is_open(n, a, b + 1) implies !is_open(
            n,
            a + 1,
            b + 1,
        ) by {
        assert(is_open(n, a + 1, b + 1) == (is_open(s, a + 1, b + 1) || (a + 1 == x && b + 1 == y)));
        if is_open(s, a, b) {
        }
    }
    assert forall|a: int, b: int| #![trigger is_open(n, a, b)]
        (is_open(n, a, b) && is_open(n, a + 1, b + 1) ==> is_open(n, a + 1, b) || is_open(
            n,
            a,
            b + 1,
        )) && (is_open(n, a + 1, b) && is_open(n, a, b + 1) ==> is_open(n, a, b) || is_open(
            n,
            a + 1,
            b + 1,
        )) by {
        assert(is_open(n, a + 1, b + 1) == (is_open(s, a + 1, b + 1) || (a + 1 == x && b + 1 == y)));
        assert(is_open(n, a + 1, b) == (is_open(s, a + 1, b) || (a + 1 == x && b == y)));
        assert(is_open(n, a, b + 1) == (is_open(s, a, b + 1) || (a == x && b + 1 == y)));
        if is_open(s, a, b) {
        }
    }
}

/// Grids carved in the same places have the same counts.
pub proof fn lemma_counts_same_openings(s: Seq<Seq<TileState>>, n: Seq<Seq<TileState>>)
    requires
        s.len() == n.len(),
        cols_of(s) == cols_of(n),
        forall|a: int, b: int| #[trigger] is_open(n, a, b) == is_open(s, a, b),
    ensures
        carved_count(n) == carved_count(s),
        link_count(n) == link_count(s),
{
    let m = s.len() as int;
    let c = cols_of(s);
    assert forall|i: int, j: int| 0 <= i < m && 0 <= j < c && (i, j) != (-1int, -1int) implies #[trigger] open_term(s)(i, j)
        == open_term(n)(i, j) by {
        assert(is_open(n, i, j) == is_open(s, i, j));
    }
    lemma_grid_sum_point(open_term(s), open_term(n), m, c, -1, -1);
    assert forall|i: int, j: int| 0 <= i < m && 0 <= j < c && (i, j) != (-1int, -1int) implies #[trigger] link_term(s)(i, j)
        == link_term(n)(i, j) by {
        assert(is_open(n, i, j) == is_open(s, i, j));
        assert(is_open(n, i + 1, j) == is_open(s, i + 1, j));
        assert(is_open(n, i, j + 1) == is_open(s, i, j + 1));
    }
    lemma_grid_sum_point(link_term(s), link_term(n), m, c, -1, -1);
}

/// Carving a wall cell adds one carved cell, and one link for each carved
/// cell beside it.
pub proof fn lemma_carve_counts(s: Seq<Seq<TileState>>, x: int, y: int)
    requires
        forall|i: int| 0 <= i < s.len() ==> #[trigger] s[i].len() == cols_of(s),
        in_grid(s, x, y),
        !is_open(s, x, y),
    ensures
        carved_count(set_cell(s, x, y, TileState::Empty)) == carved_count(s) + 1,
        link_count(set_cell(s, x, y, TileState::Empty)) == link_count(s) + (if is_open(
            s,
            x + 1,
            y,
        ) {
            1int
        } else {
            0int
        }) + (if is_open(s, x - 1, y) {
            1int
        } else {
            0int
        }) + (if is_open(s, x, y + 1) {
            1int
        } else {
            0int
        }) + (if is_open(s, x, y - 1) {
            1int
        } else {
            0int
        }),
{
    let n = set_cell(s, x, y, TileState::Empty);
    let m = s.len() as int;
    let c = cols_of(s);
    assert(cols_of(n) == c);
    assert forall|a: int, b: int| #[trigger]
        is_open(n, a, b) == (is_open(s, a, b) || (a == x && b == y)) by {}
    assert forall|i: int, j: int| 0 <= i < m && 0 <= j < c && (i, j) != (x, y) implies #[trigger] open_term(s)(i, j)
        == open_term(n)(i, j) by {
        assert(is_open(n, i, j) == is_open(s, i, j));
    }
    lemma_grid_sum_point(open_term(s), open_term(n), m, c, x, y);
    let ls = link_term(s);
    let ln = link_term(n);
    let f1 = |i: int, j: int| if (i, j) == (x, y) { ln(i, j) } else { ls(i, j) };
    let f2 = |i: int, j: int| if (i, j) == (x - 1, y) { ln(i, j) } else { f1(i, j) };
    assert forall|i: int, j: int| 0 <= i < m && 0 <= j < c && (i, j) != (x, y) implies #[trigger] ls(i, j)
        == f1(i, j) by {}
    lemma_grid_sum_point(ls, f1, m, c, x, y);
    assert forall|i: int, j: int| 0 <= i < m && 0 <= j < c && (i, j) != (x - 1, y) implies #[trigger] f1(i, j)
        == f2(i, j) by {}
    lemma_grid_sum_point(f1, f2, m, c, x - 1, y);
    assert forall|i: int, j: int| 0 <= i < m && 0 <= j < c && (i, j) != (x, y - 1) implies #[trigger] f2(i, j)
        == ln(i, j) by {
        if (i, j) != (x, y) && (i, j) != (x - 1, y) {
            assert(is_open(n, i, j) == is_open(s, i, j));
            assert(is_open(n, i + 1, j) == (is_open(s, i + 1, j) || (i + 1 == x && j == y)));
            assert(is_open(n, i, j + 1) == (is_open(s, i, j + 1) || (i == x && j + 1 == y)));
        }
    }
    lemma_grid_sum_point(f2, ln, m, c, x, y - 1);
    assert(is_open(n, x + 1, y) == is_open(s, x + 1, y));
    assert(is_open(n, x, y + 1) == is_open(s, x, y + 1));
    assert(is_open(n, x - 1, y) == is_open(s, x - 1, y));
    assert(is_open(n, x, y - 1) == is_open(s, x, y - 1));
    assert(is_open(n, x - 1, y + 1) == is_open(s, x - 1, y + 1));
    assert(is_open(n, x + 1, y - 1) == is_open(s, x + 1, y - 1));
}


/// In a grid of walls there are as many carved cells as links: none.
pub proof fn lemma_walls_counts(s: Seq<Seq<TileState>>)
    requires
        forall|i: int, j: int| #![trigger s[i][j]] in_grid(s, i, j) ==> s[i][j] == TileState::Wall,
    ensures
        carved_count(s) == link_count(s),
{
    assert forall|i: int, j: int|
        0 <= i < s.len() && 0 <= j < cols_of(s) && (i, j) != (-1int, -1int) implies #[trigger] open_term(s)(i, j)
        == link_term(s)(i, j) by {
        assert(!is_open(s, i, j));
    }
    lemma_grid_sum_point(open_term(s), link_term(s), s.len() as int, cols_of(s), -1, -1);
}

/// Carving a single cell of an all-wall grid leaves one carved cell, which can
/// form neither a square nor a corner contact.
pub proof fn lemma_carve_first(s: Seq<Seq<TileState>>, x: int, y: int)
    requires
        in_grid(s, x, y),
        forall|i: int, j: int| #![trigger s[i][j]] in_grid(s, i, j) ==> s[i][j] == TileState::Wall,
    ensures
        no_open_square(set_cell(s, x, y, TileState::Empty)),
        no_corner_contact(set_cell(s, x, y, TileState::Empty)),
{
    let n = set_cell(s, x, y, TileState::Empty);
    assert forall|a: int, b: int| #[trigger] is_open(n, a, b) == (a == x && b == y) by {
        if in_grid(s, a, b) {
            assert(s[a][b] == TileState::Wall);
        }
    }
}

/// Whether two cells share an edge.
pub open spec fn adjacent(a: (int, int), b: (int, int)) -> bool {
    (a.0 == b.0 && (a.1 == b.1 + 1 || b.1 == a.1 + 1)) || (a.1 == b.1 && (a.0 == b.0 + 1 || b.0
        == a.0 + 1))
}

/// Whether `p` is a walk through carved cells, each sharing an edge with the
/// next.
pub open spec fn is_passage(s: Seq<Seq<TileState>>, p: Seq<(int, int)>) -> bool {
    &&& p.len() > 0
    &&& forall|k: int| 0 <= k < p.len() ==> #[trigger] is_open(s, p[k].0, p[k].1)
    &&& forall|k: int| 0 <= k < p.len() - 1 ==> #[trigger] adjacent(p[k], p[k + 1])
}

/// Whether a walk through carved cells leads from `a` to `b`.
pub open spec fn joined(s: Seq<Seq<TileState>>, a: (int, int), b: (int, int)) -> bool {
    exists|p: Seq<(int, int)>| #[trigger] is_passage(s, p) && p[0] == a && p.last() == b
}

/// Every carved cell can be reached from `r` through carved cells.
pub open spec fn reached_from(s: Seq<Seq<TileState>>, r: (int, int)) -> bool {
    forall|i: int, j: int| #[trigger] is_open(s, i, j) ==> joined(s, r, (i, j))
}

/// Any two carved cells are joined by a walk through carved cells.
pub open spec fn all_joined(s: Seq<Seq<TileState>>) -> bool {
    forall|a: (int, int), b: (int, int)|
        is_open(s, a.0, a.1) && is_open(s, b.0, b.1) ==> #[trigger] joined(s, a, b)
}

/// A walk stays a walk when more cells are carved.
pub proof fn lemma_joined_grows(s: Seq<Seq<TileState>>, n: Seq<Seq<TileState>>, a: (int, int), b: (int, int))
    requires
        forall|i: int, j: int| #[trigger] is_open(s, i, j) ==> is_open(n, i, j),
        joined(s, a, b),
    ensures
        joined(n, a, b),
{
    let p = choose|p: Seq<(int, int)>| #[trigger] is_passage(s, p) && p[0] == a && p.last() == b;
    assert forall|k: int| 0 <= k < p.len() implies #[trigger] is_open(n, p[k].0, p[k].1) by {
        assert(is_open(s, p[k].0, p[k].1));
    }
    assert(is_passage(n, p));
}

/// A walk to `b` goes on to a carved cell beside `b`.
pub proof fn lemma_joined_step(s: Seq<Seq<TileState>>, a: (int, int), b: (int, int), c: (int, int))
    requires
        joined(s, a, b),
        is_open(s, c.0, c.1),
        adjacent(b, c),
    ensures
        joined(s, a, c),
{
    let p = choose|p: Seq<(int, int)>| #[trigger] is_passage(s, p) && p[0] == a && p.last() == b;
    let q = p.push(c);
    assert forall|k: int| 0 <= k < q.len() implies #[trigger] is_open(s, q[k].0, q[k].1) by {
        if k < p.len() {
            assert(q[k] == p[k]);
        }
    }
    assert forall|k: int| 0 <= k < q.len() - 1 implies #[trigger] adjacent(q[k], q[k + 1]) by {
        if k < p.len() - 1 {
            assert(q[k] == p[k] && q[k + 1] == p[k + 1]);
            assert(adjacent(p[k], p[k + 1]));
        }
    }
    assert(is_passage(s, q));
}

/// Two cells reached from a common cell are joined to each other.
pub proof fn lemma_joined_through(s: Seq<Seq<TileState>>, r: (int, int), a: (int, int), b: (int, int))
    requires
        joined(s, r, a),
        joined(s, r, b),
    ensures
        joined(s, a, b),
{
    let p = choose|p: Seq<(int, int)>| #[trigger] is_passage(s, p) && p[0] == r && p.last() == a;
    let q = choose|q: Seq<(int, int)>| #[trigger] is_passage(s, q) && q[0] == r && q.last() == b;
    let rp = p.reverse();
    let w = rp + q.drop_first();
    assert forall|k: int| 0 <= k < w.len() implies #[trigger] is_open(s, w[k].0, w[k].1) by {
        if k < rp.len() {
            assert(w[k] == p[p.len() - 1 - k]);
        } else {
            assert(w[k] == q[k - rp.len() + 1]);
        }
    }
    assert forall|k: int| 0 <= k < w.len() - 1 implies #[trigger] adjacent(w[k], w[k + 1]) by {
        if k < rp.len() - 1 {
            assert(w[k] == p[p.len() - 1 - k]);
            assert(w[k + 1] == p[p.len() - 2 - k]);
            assert(adjacent(p[p.len() - 2 - k], p[p.len() - 2 - k + 1]));
        } else if k == rp.len() - 1 {
            assert(w[k] == p[0]);
            assert(w[k + 1] == q[1]);
            assert(adjacent(q[0int], q[0int + 1]));
        } else {
            assert(w[k] == q[k - rp.len() + 1]);
            assert(w[k + 1] == q[k - rp.len() + 2]);
            assert(adjacent(q[k - rp.len() + 1], q[k - rp.len() + 1 + 1]));
        }
    }
    if q.len() == 1 {
        assert(w =~= rp);
        assert(w.last() == p[0]);
    }
    assert(is_passage(s, w));
    assert(w[0] == a);
}

/// Where every carved cell is reached from one cell, any two are joined.
pub proof fn lemma_all_joined(s: Seq<Seq<TileState>>, r: (int, int))
    requires
        reached_from(s, r),
    ensures
        all_joined(s),
{
    assert forall|a: (int, int), b: (int, int)|
        is_open(s, a.0, a.1) && is_open(s, b.0, b.1) implies #[trigger] joined(s, a, b) by {
        lemma_joined_through(s, r, a, b);
    }
}

/// None of the four candidates of `(x, y)` may be carved: the search has
/// nothing left to do from this cell.
pub open spec fn stuck(cells: Seq<Seq<TileState>>, seen: Seq<Seq<bool>>, x: int, y: int) -> bool {
    &&& !valid_neighbour(cells, seen, x, y + 1, Direction::North)
    &&& !valid_neighbour(cells, seen, x + 1, y, Direction::East)
    &&& !valid_neighbour(cells, seen, x, step_down(y), Direction::South)
    &&& !valid_neighbour(cells, seen, step_down(x), y, Direction::West)
}

/// `n` and `nseen` hold at least what `s` and `seen` hold: every carved cell
/// stays carved and every visited cell stays visited, on flag grids of one
/// shape.
pub open spec fn grown(
    s: Seq<Seq<TileState>>,
    seen: Seq<Seq<bool>>,
    n: Seq<Seq<TileState>>,
    nseen: Seq<Seq<bool>>,
) -> bool {
    &&& forall|i: int, j: int| #[trigger] is_open(s, i, j) ==> is_open(n, i, j)
    &&& seen.len() == nseen.len()
    &&& forall|i: int| 0 <= i < seen.len() ==> #[trigger] seen[i].len() == nseen[i].len()
    &&& forall|i: int, j: int| in_grid(seen, i, j) && #[trigger] seen[i][j] ==> nseen[i][j]
}

/// Carving or visiting more cells never makes a candidate valid.
pub proof fn lemma_valid_shrinks(
    s: Seq<Seq<TileState>>,
    seen: Seq<Seq<bool>>,
    n: Seq<Seq<TileState>>,
    nseen: Seq<Seq<bool>>,
    x: int,
    y: int,
    d: Direction,
)
    requires
        grown(s, seen, n, nseen),
        valid_neighbour(n, nseen, x, y, d),
    ensures
        valid_neighbour(s, seen, x, y, d),
{
    assert(in_grid(nseen, x, y));
    if seen[x][y] {
        assert(nseen[x][y]);
    }
}

/// A cell with nothing left to do stays so as more cells are carved or visited.
pub proof fn lemma_stuck_grows(
    s: Seq<Seq<TileState>>,
    seen: Seq<Seq<bool>>,
    n: Seq<Seq<TileState>>,
    nseen: Seq<Seq<bool>>,
    x: int,
    y: int,
)
    requires
        grown(s, seen, n, nseen),
        stuck(s, seen, x, y),
    ensures
        stuck(n, nseen, x, y),
{
    if valid_neighbour(n, nseen, x, y + 1, Direction::North) {
        lemma_valid_shrinks(s, seen, n, nseen, x, y + 1, Direction::North);
    }
    if valid_neighbour(n, nseen, x + 1, y, Direction::East) {
        lemma_valid_shrinks(s, seen, n, nseen, x + 1, y, Direction::East);
    }
    if valid_neighbour(n, nseen, x, step_down(y), Direction::South) {
        lemma_valid_shrinks(s, seen, n, nseen, x, step_down(y), Direction::South);
    }
    if valid_neighbour(n, nseen, step_down(x), y, Direction::West) {
        lemma_valid_shrinks(s, seen, n, nseen, step_down(x), y, Direction::West);
    }
}

/// Where a carved cell has nothing left to do and unvisited cells are walls,
/// a grid of at least two cells holds a second carved cell.
pub proof fn lemma_second_carved(
    s: Seq<Seq<TileState>>,
    seen: Seq<Seq<bool>>,
    w: int,
    h: int,
    x: int,
    y: int,
) -> (c: (int, int))
    requires
        w >= 1,
        h >= 1,
        w * h >= 2,
        s.len() == w,
        seen.len() == w,
        forall|i: int| 0 <= i < w ==> #[trigger] s[i].len() == h,
        forall|i: int| 0 <= i < w ==> #[trigger] seen[i].len() == h,
        forall|i: int, j: int| in_grid(seen, i, j) && #[trigger] seen[i][j] ==> is_open(s, i, j),
        is_open(s, x, y),
        stuck(s, seen, x, y),
    ensures
        is_open(s, c.0, c.1),
        c != (x, y),
{
    if w == 1 && h == 1 {
        assert(w * h == 1) by (nonlinear_arith)
            requires
                w == 1,
                h == 1,
        ;
    }
    let (n, d) = if x + 1 < w {
        ((x + 1, y), Direction::East)
    } else if x > 0 {
        ((x - 1, y), Direction::West)
    } else if y + 1 < h {
        ((x, y + 1), Direction::North)
    } else {
        ((x, y - 1), Direction::South)
    };
    assert(in_grid(s, n.0, n.1));
    if is_open(s, n.0, n.1) {
        n
    } else {
        assert(!seen[n.0][n.1]);
        assert(!isolated(s, n.0, n.1, d));
        let (p, q) = n;
        let ps = step_down(p);
        let qs = step_down(q);
        if is_open(s, p + 1, q) && (p + 1, q) != (x, y) {
            (p + 1, q)
        } else if is_open(s, p, q + 1) && (p, q + 1) != (x, y) {
            (p, q + 1)
        } else if is_open(s, p + 1, q + 1) && (p + 1, q + 1) != (x, y) {
            (p + 1, q + 1)
        } else if is_open(s, ps, q) && (ps, q) != (x, y) {
            (ps, q)
        } else if is_open(s, ps, q + 1) && (ps, q + 1) != (x, y) {
            (ps, q + 1)
        } else if is_open(s, p, qs) && (p, qs) != (x, y) {
            (p, qs)
        } else if is_open(s, p + 1, qs) && (p + 1, qs) != (x, y) {
            (p + 1, qs)
        } else {
            assert(is_open(s, ps, qs) && (ps, qs) != (x, y));
            (ps, qs)
        }
    }
}

/// Two distinct carved cells make at least two carved cells.
pub proof fn lemma_two_carved_count(s: Seq<Seq<TileState>>, a: (int, int), b: (int, int))
    requires
        forall|i: int| 0 <= i < s.len() ==> #[trigger] s[i].len() == cols_of(s),
        is_open(s, a.0, a.1),
        is_open(s, b.0, b.1),
        a != b,
    ensures
        carved_count(s) >= 2,
{
    let m = s.len() as int;
    let c = cols_of(s);
    let f = open_term(s);
    let g1 = |i: int, j: int| if (i, j) == a { 0int } else { f(i, j) };
    let g2 = |i: int, j: int| if (i, j) == b { 0int } else { g1(i, j) };
    lemma_grid_sum_point(g1, f, m, c, a.0, a.1);
    lemma_grid_sum_point(g2, g1, m, c, b.0, b.1);
    lemma_grid_sum_nonneg(g2, m, c);
}

} // verus!
